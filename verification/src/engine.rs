//! The wanted-positions diff: from the map of positions the engine wants to
//! hold to the single intent that realizes it.

use vstd::prelude::*;
use crate::portfolio::{Bin, Portfolio, PortfolioConfig, find_bin_spec};
use crate::executor::{Execute, Tick};
use crate::wide::{b128, mul_div_u128};

verus! {

/// A wanted position: bin id and the x and y amounts to hold there.
pub type Wanted = (u32, u128, u128);

/// Does the wanted list mention this bin id?
pub open spec fn wanted_has(w: Seq<Wanted>, id: u32) -> bool {
    exists|i: int| 0 <= i < w.len() && w[i].0 == id
}

/// Liquidity tokens to burn so that the position drops from the bin's
/// `(b.x, b.y)` to `(x, y)`: the larger of the two pro-rata ratios, or the
/// one that is defined when a side is empty.
pub open spec fn cancel_tokens_spec(b: Bin, x: u128, y: u128) -> int {
    if b.x == 0 {
        (b.tokens * (b.y - y)) / (b.y as int)
    } else if b.y == 0 {
        (b.tokens * (b.x - x)) / (b.x as int)
    } else {
        let tx = (b.tokens * (b.x - x)) / (b.x as int);
        let ty = (b.tokens * (b.y - y)) / (b.y as int);
        if tx >= ty {
            tx
        } else {
            ty
        }
    }
}

/// The additions that the wanted list asks for, in list order.
pub open spec fn wanted_adds(pos: Seq<Bin>, w: Seq<Wanted>, cfg: PortfolioConfig) -> Seq<Wanted>
    decreases w.len(),
{
    if w.len() == 0 {
        Seq::empty()
    } else {
        let rest = wanted_adds(pos, w.drop_first(), cfg);
        let id = w[0].0;
        let x = w[0].1;
        let y = w[0].2;
        match find_bin_spec(pos, id) {
            Some(b) => {
                if x == 0 && y == 0 && (b.x > cfg.token_x_dust || b.y > cfg.token_y_dust) {
                    rest
                } else if x >= b.x && y >= b.y && (x - b.x > cfg.token_x_dust || y - b.y
                    > cfg.token_y_dust) {
                    seq![(id, (x - b.x) as u128, (y - b.y) as u128)] + rest
                } else {
                    rest
                }
            },
            None => {
                if x > cfg.token_x_dust || y > cfg.token_y_dust {
                    seq![(id, x, y)] + rest
                } else {
                    rest
                }
            },
        }
    }
}

/// A cancellation: bin id, the x and y amounts leaving, and the liquidity
/// tokens to burn.
pub type Cancellation = (u32, u128, u128, u128);

/// The cancellations that the wanted list asks for, in list order.
pub open spec fn wanted_cancels(pos: Seq<Bin>, w: Seq<Wanted>, cfg: PortfolioConfig) -> Seq<
    Cancellation,
>
    decreases w.len(),
{
    if w.len() == 0 {
        Seq::empty()
    } else {
        let rest = wanted_cancels(pos, w.drop_first(), cfg);
        let id = w[0].0;
        let x = w[0].1;
        let y = w[0].2;
        match find_bin_spec(pos, id) {
            Some(b) => {
                if x == 0 && y == 0 && (b.x > cfg.token_x_dust || b.y > cfg.token_y_dust) {
                    seq![(id, b.x, b.y, b.tokens)] + rest
                } else if x >= b.x && y >= b.y && (x - b.x > cfg.token_x_dust || y - b.y
                    > cfg.token_y_dust) {
                    rest
                } else if x <= b.x && y <= b.y && (b.x - x > cfg.token_x_dust || b.y - y
                    > cfg.token_y_dust) {
                    seq![
                        (id, (b.x - x) as u128, (b.y - y) as u128, cancel_tokens_spec(b, x, y)
                            as u128),
                    ] + rest
                } else {
                    rest
                }
            },
            None => rest,
        }
    }
}

/// Full cancellations of positions that the wanted list no longer mentions,
/// in position order.
pub open spec fn missing_cancels(pos: Seq<Bin>, w: Seq<Wanted>) -> Seq<Cancellation>
    decreases pos.len(),
{
    if pos.len() == 0 {
        Seq::empty()
    } else {
        let rest = missing_cancels(pos.drop_first(), w);
        let b = pos[0];
        if !wanted_has(w, b.id) {
            seq![(b.id, b.x, b.y, b.tokens)] + rest
        } else {
            rest
        }
    }
}

/// Does any cancellation move more than dust on either side?
pub open spec fn any_significant(c: Seq<Cancellation>, cfg: PortfolioConfig) -> bool {
    exists|i: int|
        0 <= i < c.len() && (c[i].1 > cfg.token_x_dust || c[i].2 > cfg.token_y_dust)
}

/// The cancellation list after the final insignificance rule: with nothing
/// to add and nothing significant to cancel, cancel nothing.
pub open spec fn final_cancels(pos: Seq<Bin>, w: Seq<Wanted>, cfg: PortfolioConfig) -> Seq<
    Cancellation,
> {
    let all = wanted_cancels(pos, w, cfg) + missing_cancels(pos, w);
    if wanted_adds(pos, w, cfg).len() == 0 && !any_significant(all, cfg) {
        Seq::empty()
    } else {
        all
    }
}

/// Additions as they appear inside an intent.
pub open spec fn adds_as_orders(a: Seq<Wanted>) -> Seq<(Tick, u128, u128)> {
    a.map(|i: int, e: Wanted| (Tick::Exact(e.0), e.1, e.2))
}

/// Cancellations as they appear inside an intent: exact tick and the tokens
/// to burn.
pub open spec fn cancels_as_orders(c: Seq<Cancellation>) -> Seq<(Tick, u128)> {
    c.map(|i: int, e: Cancellation| (Tick::Exact(e.0), e.3))
}

/// Find a position by bin id.
pub fn find_bin(pos: &Vec<Bin>, id: u32) -> (r: Option<Bin>)
    ensures
        r == find_bin_spec(pos@, id),
{
    let mut i: usize = 0;
    let n = pos.len();
    proof {
        assert(pos@.skip(0) =~= pos@);
    }
    while i < n
        invariant
            i <= n,
            n == pos@.len(),
            find_bin_spec(pos@, id) == find_bin_spec(pos@.skip(i as int), id),
        decreases n - i,
    {
        if pos[i].id == id {
            proof {
                assert(pos@.skip(i as int)[0] == pos@[i as int]);
            }
            return Some(pos[i]);
        }
        proof {
            assert(pos@.skip(i as int).drop_first() =~= pos@.skip(i as int + 1));
            assert(pos@.skip(i as int)[0] == pos@[i as int]);
        }
        i = i + 1;
    }
    proof {
        assert(pos@.skip(n as int).len() == 0);
    }
    None
}

/// Is a bin id mentioned in the wanted list?
pub fn wanted_contains(w: &Vec<Wanted>, id: u32) -> (r: bool)
    ensures
        r == wanted_has(w@, id),
{
    let mut i: usize = 0;
    let n = w.len();
    while i < n
        invariant
            i <= n,
            n == w@.len(),
            forall|j: int| 0 <= j < i ==> w@[j].0 != id,
        decreases n - i,
    {
        if w[i].0 == id {
            return true;
        }
        i = i + 1;
    }
    false
}

impl Portfolio {
    /// Liquidity tokens to burn for a partial cancellation.
    fn cancel_tokens(b: Bin, x: u128, y: u128) -> (r: u128)
        requires
            x <= b.x,
            y <= b.y,
            b.x > 0 || b.y > 0,
        ensures
            r == cancel_tokens_spec(b, x, y),
    {
        proof {
            lemma_ratio_within(b.tokens as int, (b.x - x) as int, b.x as int);
            lemma_ratio_within(b.tokens as int, (b.y - y) as int, b.y as int);
        }
        if b.x == 0 {
            mul_div_u128(b.tokens, b.y - y, b.y).to_u128()
        } else if b.y == 0 {
            mul_div_u128(b.tokens, b.x - x, b.x).to_u128()
        } else {
            let tx = mul_div_u128(b.tokens, b.x - x, b.x).to_u128();
            let ty = mul_div_u128(b.tokens, b.y - y, b.y).to_u128();
            if tx >= ty {
                tx
            } else {
                ty
            }
        }
    }

    /// Diff the wanted positions against the held ones and produce at most
    /// one intent.  With no liquidity change due, fall back to the periodic
    /// fee claim and then the periodic gas check.
    pub fn get_diff(&mut self, positions_wanted: &Vec<Wanted>, now: u64) -> (r: Option<
        Execute,
    >)
        ensures
            ({
                let adds = wanted_adds(old(self).positions@, positions_wanted@, old(self).config);
                let cans = final_cancels(old(self).positions@, positions_wanted@,
                    old(self).config);
                &&& (adds.len() > 0 && cans.len() > 0 ==> (r matches Some(
                    Execute::Move { from, to },
                ) && from@ == cancels_as_orders(cans) && to@ == adds_as_orders(adds)
                    && *final(self) == *old(self)))
                &&& (adds.len() > 0 && cans.len() == 0 ==> (r matches Some(Execute::Make(v))
                    && v@ == adds_as_orders(adds) && *final(self) == *old(self)))
                &&& (adds.len() == 0 && cans.len() > 0 ==> (r matches Some(Execute::Cancel(v))
                    && v@ == cancels_as_orders(cans) && *final(self) == *old(self)))
                &&& (adds.len() == 0 && cans.len() == 0 ==> {
                    if old(self).fee_claim_due(now) {
                        r == Some(Execute::Claim) && *final(self) == (Portfolio {
                            last_fee_claim: now,
                            ..*old(self)
                        })
                    } else if old(self).gas_check_due(now) {
                        r == Some(Execute::CheckGas) && *final(self) == (Portfolio {
                            last_gas_check: now,
                            ..*old(self)
                        })
                    } else {
                        r is None && *final(self) == *old(self)
                    }
                })
            }),
    {
        let ghost pos = self.positions@;
        let ghost wall = positions_wanted@;
        let ghost cfg = self.config;
        let mut to_add: Vec<(u32, u128, u128)> = Vec::new();
        let mut to_cancel: Vec<Cancellation> = Vec::new();
        let n = positions_wanted.len();
        let mut i: usize = 0;
        proof {
            assert(wall.skip(0) =~= wall);
        }
        while i < n
            invariant
                i <= n,
                n == wall.len(),
                wall == positions_wanted@,
                pos == self.positions@,
                cfg == self.config,
                wanted_adds(pos, wall, cfg) =~= to_add@ + wanted_adds(pos, wall.skip(i as int),
                    cfg),
                wanted_cancels(pos, wall, cfg) =~= to_cancel@ + wanted_cancels(pos, wall.skip(
                    i as int), cfg),
            decreases n - i,
        {
            let (id, x, y) = (positions_wanted[i].0, positions_wanted[i].1, positions_wanted[i].2);
            proof {
                assert(wall.skip(i as int)[0] == wall[i as int]);
                assert(wall.skip(i as int).drop_first() =~= wall.skip(i as int + 1));
            }
            match find_bin(&self.positions, id) {
                Some(b) => {
                    if x == 0 && y == 0 && (b.x > self.config.token_x_dust || b.y
                        > self.config.token_y_dust) {
                        to_cancel.push((id, b.x, b.y, b.tokens));
                    } else if x >= b.x && y >= b.y && (x - b.x > self.config.token_x_dust || y
                        - b.y > self.config.token_y_dust) {
                        to_add.push((id, x - b.x, y - b.y));
                    } else if x <= b.x && y <= b.y && (b.x - x > self.config.token_x_dust || b.y
                        - y > self.config.token_y_dust) {
                        let tokens = Self::cancel_tokens(b, x, y);
                        to_cancel.push((id, b.x - x, b.y - y, tokens));
                    }
                },
                None => {
                    if x > self.config.token_x_dust || y > self.config.token_y_dust {
                        to_add.push((id, x, y));
                    }
                },
            }
            i = i + 1;
        }
        proof {
            assert(wall.skip(n as int).len() == 0);
            assert(wanted_adds(pos, wall, cfg) =~= to_add@);
            assert(wanted_cancels(pos, wall, cfg) =~= to_cancel@);
        }
        // Positions the wanted list no longer mentions are cancelled whole.
        let ghost wanted_cancel_part = to_cancel@;
        let np = self.positions.len();
        let mut k: usize = 0;
        proof {
            assert(pos.skip(0) =~= pos);
        }
        while k < np
            invariant
                k <= np,
                np == pos.len(),
                pos == self.positions@,
                cfg == self.config,
                wall == positions_wanted@,
                wanted_cancel_part + missing_cancels(pos, wall) =~= to_cancel@ + missing_cancels(
                    pos.skip(k as int), wall),
            decreases np - k,
        {
            let b = self.positions[k];
            proof {
                assert(pos.skip(k as int)[0] == pos[k as int]);
                assert(pos.skip(k as int).drop_first() =~= pos.skip(k as int + 1));
            }
            if !wanted_contains(positions_wanted, b.id) {
                to_cancel.push((b.id, b.x, b.y, b.tokens));
            }
            k = k + 1;
        }
        proof {
            assert(pos.skip(np as int).len() == 0);
            assert(to_cancel@ =~= wanted_cancel_part + missing_cancels(pos, wall));
        }
        // With nothing to add, insignificant cancellations are not worth a
        // transaction either.  (Additions below dust were never recorded.)
        let mut significant = false;
        let nc = to_cancel.len();
        let mut c: usize = 0;
        while c < nc
            invariant
                c <= nc,
                nc == to_cancel@.len(),
                cfg == self.config,
                significant == any_significant(to_cancel@.take(c as int), cfg),
            decreases nc - c,
        {
            let e = to_cancel[c];
            proof {
                assert(to_cancel@.take(c as int + 1).drop_last() =~= to_cancel@.take(c as int));
                assert(to_cancel@.take(c as int + 1).last() == to_cancel@[c as int]);
                if e.1 > cfg.token_x_dust || e.2 > cfg.token_y_dust {
                    assert(to_cancel@.take(c as int + 1)[c as int] == to_cancel@[c as int]);
                }
            }
            if e.1 > self.config.token_x_dust || e.2 > self.config.token_y_dust {
                significant = true;
                proof {
                    assert(any_significant(to_cancel@.take(c as int + 1), cfg));
                }
            }
            c = c + 1;
        }
        proof {
            assert(to_cancel@.take(nc as int) =~= to_cancel@);
        }
        if to_add.len() == 0 && !significant {
            to_cancel = Vec::new();
        }
        proof {
            assert(to_cancel@ =~= final_cancels(pos, wall, cfg));
        }
        if to_add.len() > 0 || to_cancel.len() > 0 {
            let has_adds = to_add.len() > 0;
            let has_cans = to_cancel.len() > 0;
            let mut to: Vec<(Tick, u128, u128)> = Vec::new();
            let na = to_add.len();
            let mut a: usize = 0;
            while a < na
                invariant
                    a <= na,
                    na == to_add@.len(),
                    to@ =~= adds_as_orders(to_add@.take(a as int)),
                decreases na - a,
            {
                let e = to_add[a];
                to.push((Tick::Exact(e.0), e.1, e.2));
                proof {
                    assert(to_add@.take(a as int + 1).drop_last() =~= to_add@.take(a as int));
                    assert(adds_as_orders(to_add@.take(a as int + 1)) =~= adds_as_orders(to_add@.take(
                        a as int)).push((Tick::Exact(e.0), e.1, e.2)));
                }
                a = a + 1;
            }
            let mut from: Vec<(Tick, u128)> = Vec::new();
            let nf = to_cancel.len();
            let mut f: usize = 0;
            while f < nf
                invariant
                    f <= nf,
                    nf == to_cancel@.len(),
                    from@ =~= cancels_as_orders(to_cancel@.take(f as int)),
                decreases nf - f,
            {
                let e = to_cancel[f];
                from.push((Tick::Exact(e.0), e.3));
                proof {
                    assert(to_cancel@.take(f as int + 1).drop_last() =~= to_cancel@.take(f as int));
                    assert(cancels_as_orders(to_cancel@.take(f as int + 1)) =~= cancels_as_orders(
                        to_cancel@.take(f as int)).push((Tick::Exact(e.0), e.3)));
                }
                f = f + 1;
            }
            proof {
                assert(to_add@.take(na as int) =~= to_add@);
                assert(to_cancel@.take(nf as int) =~= to_cancel@);
            }
            if has_adds && has_cans {
                return Some(Execute::Move { from, to });
            } else if has_adds {
                return Some(Execute::Make(to));
            } else {
                return Some(Execute::Cancel(from));
            }
        }
        // Nothing to do on the book: periodic upkeep.
        if self.fee_claim_due_exec(now) {
            self.last_fee_claim = now;
            return Some(Execute::Claim);
        }
        if self.gas_check_due_exec(now) {
            self.last_gas_check = now;
            return Some(Execute::CheckGas);
        }
        None
    }

    /// The hourly fee claim is due.
    pub open spec fn fee_claim_due(self, now: u64) -> bool {
        now > self.last_fee_claim && now - self.last_fee_claim > 3600
    }

    /// The ten-minute gas check is due.
    pub open spec fn gas_check_due(self, now: u64) -> bool {
        now > self.last_gas_check && now - self.last_gas_check > 600
    }

    fn fee_claim_due_exec(&self, now: u64) -> (r: bool)
        ensures
            r == self.fee_claim_due(now),
    {
        now > self.last_fee_claim && now - self.last_fee_claim > 3600
    }

    fn gas_check_due_exec(&self, now: u64) -> (r: bool)
        ensures
            r == self.gas_check_due(now),
    {
        now > self.last_gas_check && now - self.last_gas_check > 600
    }
}

/// A pro-rata share never exceeds the whole: `(t * d) / m <= t` when
/// `d <= m`.
proof fn lemma_ratio_within(t: int, d: int, m: int)
    requires
        t >= 0,
        0 <= d <= m,
    ensures
        m > 0 ==> 0 <= (t * d) / m <= t,
{
    if m > 0 {
        assert(t * d <= t * m) by (nonlinear_arith)
            requires
                t >= 0 && d <= m,
        ;
        assert(t * d >= 0) by (nonlinear_arith)
            requires
                t >= 0 && d >= 0,
        ;
        assert(t * m == m * t) by (nonlinear_arith);
        vstd::arithmetic::div_mod::lemma_div_is_ordered(0, t * d, m);
        vstd::arithmetic::div_mod::lemma_div_is_ordered(t * d, t * m, m);
        vstd::arithmetic::div_mod::lemma_div_multiples_vanish(t, m);
    }
}

/// The diff is a function of the positions, the wanted list and the
/// configuration alone: two identical calls decide identically.
pub proof fn lemma_diff_idempotent(p1: Portfolio, p2: Portfolio, w: Seq<Wanted>)
    requires
        p1.positions@ == p2.positions@,
        p1.config == p2.config,
    ensures
        wanted_adds(p1.positions@, w, p1.config) == wanted_adds(p2.positions@, w, p2.config),
        final_cancels(p1.positions@, w, p1.config) == final_cancels(p2.positions@, w, p2.config),
{
}

} // verus!
