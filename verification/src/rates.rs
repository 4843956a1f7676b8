//! Exchange rates as exact rationals, the tables that hold them, and the
//! resolver that finds a rate between two currencies.
//!
//! A live-rate table is keyed by a pair identifier, the two currency codes
//! followed by `=X`; an override table is keyed by a single currency code
//! and gives that currency's rate to USD. A direct pair always wins over a
//! pivot through USD.

use crate::textutil::str_eq;
use vstd::prelude::*;

verus! {

/// An exchange rate: one unit of a source currency is worth `num / den`
/// units of a destination currency.
///
/// Rates entered from outside the crate are built with [`Rate::new`], whose
/// components fit in `u32`; rates produced by pivoting through two such
/// rates have components up to the product of two `u32` values, which still
/// fits in `u64`.
#[derive(Clone, Copy, Debug)]
pub struct Rate {
    num: u64,
    den: u64,
}

impl Rate {
    /// The numerator, as seen by specifications.
    pub closed spec fn spec_num(self) -> int {
        self.num as int
    }

    /// The denominator, as seen by specifications.
    pub closed spec fn spec_den(self) -> int {
        self.den as int
    }

    /// A rate is usable when its denominator is positive.
    pub open spec fn wf(self) -> bool {
        1 <= self.spec_den()
    }

    /// A rate is small when both components fit in `u32`; table entries are
    /// all small, so that pivoting two of them cannot overflow `u64`.
    pub open spec fn small(self) -> bool {
        &&& self.wf()
        &&& self.spec_num() <= u32::MAX
        &&& self.spec_den() <= u32::MAX
    }

    /// Builds the rate `num / den`.
    pub fn new(num: u32, den: u32) -> (r: Rate)
        requires
            1 <= den,
        ensures
            r.spec_num() == num,
            r.spec_den() == den,
            r.small(),
    {
        Rate { num: num as u64, den: den as u64 }
    }

    /// The identity rate `1 / 1`.
    pub fn one() -> (r: Rate)
        ensures
            r == Rate::spec_one(),
    {
        Rate { num: 1, den: 1 }
    }

    /// The identity rate, as seen by specifications.
    pub closed spec fn spec_one() -> Rate {
        Rate { num: 1, den: 1 }
    }

    /// `spec_one` really is the rate `1 / 1`.
    pub proof fn lemma_one_parts()
        ensures
            Rate::spec_one().spec_num() == 1,
            Rate::spec_one().spec_den() == 1,
            Rate::spec_one().small(),
    {
    }

    /// The numerator.
    pub fn num(&self) -> (n: u64)
        ensures
            n == self.spec_num(),
    {
        self.num
    }

    /// The denominator.
    pub fn den(&self) -> (d: u64)
        ensures
            d == self.spec_den(),
    {
        self.den
    }
}

/// The map described by a sequence of key/rate entries, later entries
/// overriding earlier ones.
pub open spec fn map_of(s: Seq<(String, Rate)>) -> Map<Seq<char>, Rate>
    decreases s.len(),
{
    if s.len() == 0 {
        Map::empty()
    } else {
        map_of(s.drop_last()).insert(s.last().0@, s.last().1)
    }
}

/// No two entries share a key.
pub open spec fn keys_unique(s: Seq<(String, Rate)>) -> bool {
    forall|i: int, j: int| 0 <= i < j < s.len() ==> s[i].0@ != s[j].0@
}

/// Every rate in the map is small.
pub open spec fn map_values_small(m: Map<Seq<char>, Rate>) -> bool {
    forall|k: Seq<char>| m.dom().contains(k) ==> #[trigger] m[k].small()
}

proof fn lemma_map_of_absent(s: Seq<(String, Rate)>, k: Seq<char>)
    requires
        forall|i: int| 0 <= i < s.len() ==> s[i].0@ != k,
    ensures
        !map_of(s).dom().contains(k),
    decreases s.len(),
{
    if s.len() > 0 {
        lemma_map_of_absent(s.drop_last(), k);
    }
}

proof fn lemma_map_of_at(s: Seq<(String, Rate)>, i: int)
    requires
        keys_unique(s),
        0 <= i < s.len(),
    ensures
        map_of(s).dom().contains(s[i].0@),
        map_of(s)[s[i].0@] == s[i].1,
    decreases s.len(),
{
    if i < s.len() - 1 {
        lemma_map_of_at(s.drop_last(), i);
    }
}

proof fn lemma_map_of_update(s: Seq<(String, Rate)>, i: int, r: Rate)
    requires
        keys_unique(s),
        0 <= i < s.len(),
    ensures
        map_of(s.update(i, (s[i].0, r))) =~= map_of(s).insert(s[i].0@, r),
    decreases s.len(),
{
    let t = s.update(i, (s[i].0, r));
    if i == s.len() - 1 {
        assert(t.drop_last() =~= s.drop_last());
    } else {
        lemma_map_of_update(s.drop_last(), i, r);
        assert(t.drop_last() =~= s.drop_last().update(i, (s[i].0, r)));
        assert(t.last() == s.last());
        lemma_map_of_at(s, i);
    }
}

/// A table of exchange rates with string keys: either live pair rates or
/// per-currency override rates.
pub struct RateMap {
    entries: Vec<(String, Rate)>,
}

impl View for RateMap {
    type V = Map<Seq<char>, Rate>;

    closed spec fn view(&self) -> Map<Seq<char>, Rate> {
        map_of(self.entries@)
    }
}

impl RateMap {
    /// The table keeps one entry per key, and only small rates.
    pub closed spec fn wf(self) -> bool {
        &&& keys_unique(self.entries@)
        &&& forall|i: int| 0 <= i < self.entries@.len() ==> (#[trigger] self.entries@[i].1).small()
    }

    /// A well-formed table holds only small rates.
    pub proof fn lemma_wf_values_small(self)
        requires
            self.wf(),
        ensures
            map_values_small(self@),
    {
        assert forall|k: Seq<char>| self@.dom().contains(k) implies #[trigger] self@[k].small() by {
            lemma_map_of_in_dom(self.entries@, k);
            let i = choose|i: int|
                0 <= i < self.entries@.len() && self.entries@[i].0@ == k;
            lemma_map_of_at(self.entries@, i);
        }
    }

    /// An empty table.
    pub fn new() -> (r: RateMap)
        ensures
            r.wf(),
            r@ == Map::<Seq<char>, Rate>::empty(),
    {
        RateMap { entries: Vec::new() }
    }

    /// Looks a key up.
    pub fn lookup(&self, key: &str) -> (r: Option<Rate>)
        requires
            self.wf(),
        ensures
            r == if self@.dom().contains(key@) {
                Some(self@[key@])
            } else {
                None::<Rate>
            },
    {
        let n = self.entries.len();
        let mut i: usize = 0;
        while i < n
            invariant
                self.wf(),
                n == self.entries@.len(),
                i <= n,
                forall|j: int| 0 <= j < i ==> self.entries@[j].0@ != key@,
            decreases n - i,
        {
            if str_eq(self.entries[i].0.as_str(), key) {
                proof {
                    lemma_map_of_at(self.entries@, i as int);
                }
                return Some(self.entries[i].1);
            }
            i += 1;
        }
        proof {
            lemma_map_of_absent(self.entries@, key@);
        }
        None
    }

    /// Inserts a rate, replacing any entry with the same key.
    pub fn insert(&mut self, key: &str, rate: Rate)
        requires
            old(self).wf(),
            rate.small(),
        ensures
            final(self).wf(),
            final(self)@ == old(self)@.insert(key@, rate),
    {
        let n = self.entries.len();
        let mut i: usize = 0;
        while i < n
            invariant
                *self == *old(self),
                self.wf(),
                n == self.entries@.len(),
                i <= n,
                rate.small(),
                forall|j: int| 0 <= j < i ==> self.entries@[j].0@ != key@,
            decreases n - i,
        {
            if str_eq(self.entries[i].0.as_str(), key) {
                proof {
                    lemma_map_of_update(self.entries@, i as int, rate);
                }
                let ghost old_entries = self.entries@;
                self.entries[i].1 = rate;
                proof {
                    assert(self.entries@ =~= old_entries.update(
                        i as int,
                        (old_entries[i as int].0, rate),
                    ));
                    assert(self@ =~= old(self)@.insert(key@, rate));
                }
                return;
            }
            i += 1;
        }
        let owned = key.to_owned();
        self.entries.push((owned, rate));
        proof {
            assert(self.entries@.drop_last() =~= old(self).entries@);
            assert(self@ =~= old(self)@.insert(key@, rate));
        }
    }
}

proof fn lemma_map_of_in_dom(s: Seq<(String, Rate)>, k: Seq<char>)
    requires
        map_of(s).dom().contains(k),
    ensures
        exists|i: int| 0 <= i < s.len() && s[i].0@ == k,
    decreases s.len(),
{
    if s.len() > 0 {
        if s.last().0@ == k {
            assert(s[s.len() - 1].0@ == k);
        } else {
            lemma_map_of_in_dom(s.drop_last(), k);
        }
    }
}

/// The rate with the given parts, as specifications name it; the parts
/// must fit in `u64`.
pub closed spec fn rate_frac(n: int, d: int) -> Rate {
    Rate { num: n as u64, den: d as u64 }
}

/// The key under which a live table holds the rate from `src` to `dst`.
pub open spec fn pair_key(src: Seq<char>, dst: Seq<char>) -> Seq<char> {
    src + dst + "=X"@
}

/// The rate from a currency to USD: one for USD itself, else the override
/// if present, else the live `<currency>USD` pair if present, else one.
pub open spec fn spec_to_usd(
    c: Seq<char>,
    live: Map<Seq<char>, Rate>,
    overrides: Map<Seq<char>, Rate>,
) -> Rate {
    if c == "USD"@ {
        Rate::spec_one()
    } else if overrides.dom().contains(c) {
        overrides[c]
    } else if live.dom().contains(pair_key(c, "USD"@)) {
        live[pair_key(c, "USD"@)]
    } else {
        Rate::spec_one()
    }
}

/// The resolved rate from `src` to `dst`: one when they are equal; the
/// direct pair when the live table has it with a positive numerator; else
/// the quotient of the two USD pivot rates, or one when the destination
/// pivot is zero.
pub open spec fn spec_resolve(
    src: Seq<char>,
    dst: Seq<char>,
    live: Map<Seq<char>, Rate>,
    overrides: Map<Seq<char>, Rate>,
) -> Rate {
    if src == dst {
        Rate::spec_one()
    } else if live.dom().contains(pair_key(src, dst)) && live[pair_key(src, dst)].spec_num()
        > 0 {
        live[pair_key(src, dst)]
    } else {
        let s = spec_to_usd(src, live, overrides);
        let d = spec_to_usd(dst, live, overrides);
        if d.spec_num() == 0 {
            Rate::spec_one()
        } else {
            rate_frac(s.spec_num() * d.spec_den(), s.spec_den() * d.spec_num())
        }
    }
}

/// Builds the live-table key for the pair `src`/`dst`.
fn make_pair_key(src: &str, dst: &str) -> (r: String)
    ensures
        r@ == pair_key(src@, dst@),
{
    let mut k = src.to_owned();
    k.append(dst);
    k.append("=X");
    k
}

/// The USD pivot rate for one currency, as [`spec_to_usd`] describes.
fn to_usd(c: &str, live: &RateMap, overrides: &RateMap) -> (r: Rate)
    requires
        live.wf(),
        overrides.wf(),
    ensures
        r == spec_to_usd(c@, live@, overrides@),
        r.small(),
{
    proof {
        live.lemma_wf_values_small();
        overrides.lemma_wf_values_small();
        Rate::lemma_one_parts();
    }
    if str_eq(c, "USD") {
        return Rate::one();
    }
    if let Some(r) = overrides.lookup(c) {
        return r;
    }
    let key = make_pair_key(c, "USD");
    if let Some(r) = live.lookup(key.as_str()) {
        return r;
    }
    Rate::one()
}

/// Resolves the conversion rate from `src` to `dst` out of live pair rates
/// and per-currency overrides. Equal currencies give one; a present,
/// positive direct pair rate wins; otherwise both currencies are pivoted
/// through USD and the quotient is taken, falling back to one when the
/// destination pivot is zero. The resolver never fails: missing or unusable
/// data degrades to the identity rate.
pub fn resolve_rate(src: &str, dst: &str, live: &RateMap, overrides: &RateMap) -> (r: Rate)
    requires
        live.wf(),
        overrides.wf(),
    ensures
        r == spec_resolve(src@, dst@, live@, overrides@),
        r.wf(),
{
    proof {
        live.lemma_wf_values_small();
        overrides.lemma_wf_values_small();
        Rate::lemma_one_parts();
    }
    if str_eq(src, dst) {
        return Rate::one();
    }
    let direct_key = make_pair_key(src, dst);
    if let Some(r) = live.lookup(direct_key.as_str()) {
        proof {
            if live@.dom().contains(direct_key@) {
                assert(live@[direct_key@].small());
            }
        }
        if r.num() > 0 {
            return r;
        }
    }
    let s = to_usd(src, live, overrides);
    let d = to_usd(dst, live, overrides);
    if d.num() == 0 {
        return Rate::one();
    }
    proof {
        assert(s.spec_num() * d.spec_den() <= 0xffff_ffff * 0xffff_ffff) by (nonlinear_arith)
            requires
                0 <= s.spec_num() <= 0xffff_ffff,
                0 <= d.spec_den() <= 0xffff_ffff,
        ;
        assert(s.spec_den() * d.spec_num() <= 0xffff_ffff * 0xffff_ffff) by (nonlinear_arith)
            requires
                0 <= s.spec_den() <= 0xffff_ffff,
                0 <= d.spec_num() <= 0xffff_ffff,
        ;
        assert(s.spec_den() * d.spec_num() >= 1) by (nonlinear_arith)
            requires
                1 <= s.spec_den(),
                1 <= d.spec_num(),
        ;
    }
    let num = s.num() * d.den();
    let den = s.den() * d.num();
    Rate { num, den }
}

/// Clamping into the range of `i64`.
pub open spec fn clamp_i64(x: int) -> int {
    if x > i64::MAX {
        i64::MAX as int
    } else if x < i64::MIN {
        i64::MIN as int
    } else {
        x
    }
}

/// The amount converted by a rate: magnitude scaled by `num / den` with the
/// division truncated, the sign kept, and the result clamped into `i64`.
pub open spec fn spec_convert(amount: int, r: Rate) -> int {
    let mag = if amount >= 0 {
        amount
    } else {
        -amount
    };
    let scaled = (mag * r.spec_num()) / r.spec_den();
    clamp_i64(
        if amount >= 0 {
            scaled
        } else {
            -scaled
        },
    )
}

/// Converts `amount` by `rate`, as [`spec_convert`] describes.
pub fn convert_amount(amount: i64, rate: Rate) -> (r: i64)
    requires
        rate.wf(),
    ensures
        r == spec_convert(amount as int, rate),
{
    let mag: u128 = if amount >= 0 {
        amount as u128
    } else {
        (-(amount as i128)) as u128
    };
    proof {
        assert(mag * rate.spec_num() <= 0x8000_0000_0000_0000 * 0xffff_ffff_ffff_ffff)
            by (nonlinear_arith)
            requires
                0 <= mag <= 0x8000_0000_0000_0000,
                0 <= rate.spec_num() <= 0xffff_ffff_ffff_ffff,
        ;
    }
    let prod: u128 = mag * (rate.num() as u128);
    let q: u128 = prod / (rate.den() as u128);
    if amount >= 0 {
        if q > i64::MAX as u128 {
            i64::MAX
        } else {
            q as i64
        }
    } else {
        if q >= 0x8000_0000_0000_0000u128 {
            i64::MIN
        } else {
            -(q as i64)
        }
    }
}

} // verus!
